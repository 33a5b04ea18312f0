//! A combination: a set of grid coordinates sharing one color, produced by
//! the detector from one run of gems, possibly merged with others later.
//!
//! A coordinate is a pair `(x, y)` where `x` is the column and `y` the row
//! of the grid the combination was detected on. Runs found on a transposed
//! grid are converted back into that frame by the `invert_coordinates`
//! flag of [`GemCombination::from_match`].

use crate::constants::MIN_COMB_SIZE;
use crate::gem::Gem;
use crate::gem_color::GemColor;
use vstd::prelude::*;

verus! {

/// A color together with the coordinates of the cells that hold it.
///
/// Invariant ([`GemCombination::wf`]): the coordinate list holds no
/// duplicates. All coordinates refer to cells of the grid the combination
/// was detected on, and every such cell has the combination's color.
#[derive(Debug)]
pub struct GemCombination {
    pub color: GemColor,
    pub combinations: Vec<(usize, usize)>,
}

/// The three coordinates of a horizontal run of [`MIN_COMB_SIZE`] cells
/// starting at `starting_column` of row `row`, written `(column, row)`,
/// or `(row, column)` when `invert` is set (for runs found on a
/// transposed grid).
pub open spec fn run_coords(row: usize, starting_column: usize, invert: bool) -> Seq<
    (usize, usize),
> {
    Seq::new(
        MIN_COMB_SIZE as nat,
        |k: int|
            if invert {
                (row, (starting_column + k) as usize)
            } else {
                ((starting_column + k) as usize, row)
            },
    )
}

impl GemCombination {
    /// True when `p` is one of this combination's coordinates.
    pub open spec fn covers(self, p: (usize, usize)) -> bool {
        self.combinations@.contains(p)
    }

    /// Well-formedness: no coordinate is listed twice.
    pub open spec fn wf(self) -> bool {
        self.combinations@.no_duplicates()
    }

    /// An empty combination of the given color.
    pub fn new(color: &GemColor) -> (result: GemCombination)
        ensures
            result.color == *color,
            result.combinations@ == Seq::<(usize, usize)>::empty(),
            result.wf(),
    {
        GemCombination { color: *color, combinations: Vec::new() }
    }

    /// A combination of the given color with the given coordinates.
    pub fn new_with_combinations(color: &GemColor, combinations: Vec<(usize, usize)>) -> (result:
        GemCombination)
        ensures
            result.color == *color,
            result.combinations@ == combinations@,
    {
        GemCombination { color: *color, combinations }
    }

    /// A by-value copy of this combination: same color, same coordinates
    /// in the same order.
    pub fn duplicate(&self) -> (result: GemCombination)
        ensures
            result.color == self.color,
            result.combinations@ == self.combinations@,
    {
        let mut coordinates: Vec<(usize, usize)> = Vec::new();
        let mut k: usize = 0;
        while k < self.combinations.len()
            invariant
                k <= self.combinations@.len(),
                coordinates@ == self.combinations@.take(k as int),
            decreases self.combinations@.len() - k,
        {
            coordinates.push(self.combinations[k]);
            proof {
                assert(coordinates@ =~= self.combinations@.take(k + 1));
            }
            k = k + 1;
        }
        proof {
            assert(coordinates@ =~= self.combinations@);
        }
        GemCombination { color: self.color, combinations: coordinates }
    }

    /// The combination for one matched window of a row-major scan: a run
    /// of [`MIN_COMB_SIZE`] same-colored gems in row `row` beginning at
    /// column `starting_column`. `invert_coordinates` must be set exactly
    /// when the scanned grid is the transpose of the one the coordinates
    /// are meant for.
    pub fn from_match(
        gem_match: &[Gem],
        row: usize,
        starting_column: usize,
        invert_coordinates: bool,
    ) -> (result: GemCombination)
        requires
            gem_match@.len() > 0,
            starting_column + MIN_COMB_SIZE <= usize::MAX,
        ensures
            result.color == gem_match@[0].color,
            result.combinations@ == run_coords(row, starting_column, invert_coordinates),
            result.wf(),
    {
        let color = gem_match[0].color;
        let mut combination = GemCombination::new(&color);
        let mut col_num: usize = 0;
        while col_num < MIN_COMB_SIZE
            invariant
                col_num <= MIN_COMB_SIZE,
                starting_column + MIN_COMB_SIZE <= usize::MAX,
                combination.color == gem_match@[0].color,
                combination.combinations@ == run_coords(
                    row,
                    starting_column,
                    invert_coordinates,
                ).take(col_num as int),
            decreases MIN_COMB_SIZE - col_num,
        {
            if invert_coordinates {
                combination.combinations.push((row, starting_column + col_num));
            } else {
                combination.combinations.push((starting_column + col_num, row));
            }
            col_num = col_num + 1;
            proof {
                assert(combination.combinations@ =~= run_coords(
                    row,
                    starting_column,
                    invert_coordinates,
                ).take(col_num as int));
            }
        }
        proof {
            assert(combination.combinations@ =~= run_coords(
                row,
                starting_column,
                invert_coordinates,
            ));
            assert forall|k1: int, k2: int|
                0 <= k1 < k2 < combination.combinations@.len() implies combination.combinations@[k1]
                != combination.combinations@[k2] by {
                if invert_coordinates {
                    assert(combination.combinations@[k1].1 != combination.combinations@[k2].1);
                } else {
                    assert(combination.combinations@[k1].0 != combination.combinations@[k2].0);
                }
            }
        }
        combination
    }
}

/// True when the two combinations have the same color and share at least
/// one coordinate: exactly then may they be merged into one.
pub open spec fn should_merge_spec(a: GemCombination, b: GemCombination) -> bool {
    a.color == b.color && exists|p: (usize, usize)|
        #![trigger a.covers(p), b.covers(p)]
        a.covers(p) && b.covers(p)
}

/// Every coordinate of `a` is a coordinate of `b`.
pub open spec fn combo_subset(a: GemCombination, b: GemCombination) -> bool {
    forall|p: (usize, usize)| #[trigger] a.covers(p) ==> b.covers(p)
}

/// Some combination of `cs` covers the coordinate `p`.
pub open spec fn covered(cs: Seq<GemCombination>, p: (usize, usize)) -> bool {
    exists|k: int| 0 <= k < cs.len() && (#[trigger] cs[k]).covers(p)
}

/// Every combination of `cs` is well-formed.
pub open spec fn all_wf(cs: Seq<GemCombination>) -> bool {
    forall|k: int| 0 <= k < cs.len() ==> (#[trigger] cs[k]).wf()
}

/// Two positions among the listed coordinates of `cs` (in one combination
/// or in two) name the same cell. Equivalently: the total number of
/// (combination, coordinate) pairs exceeds the number of distinct
/// coordinates.
pub open spec fn has_shared_coordinate(cs: Seq<GemCombination>) -> bool {
    exists|i: int, j: int, ki: int, kj: int|
        #![trigger cs[i].combinations@[ki], cs[j].combinations@[kj]]
        {
            &&& 0 <= i < cs.len() && 0 <= j < cs.len()
            &&& 0 <= ki < cs[i].combinations@.len() && 0 <= kj < cs[j].combinations@.len()
            &&& (i != j || ki != kj)
            &&& cs[i].combinations@[ki] == cs[j].combinations@[kj]
        }
}

/// No coordinate belongs to two distinct combinations of `cs`.
pub open spec fn pairwise_disjoint(cs: Seq<GemCombination>) -> bool {
    forall|i: int, j: int, p: (usize, usize)|
        0 <= i < cs.len() && 0 <= j < cs.len() && i != j && #[trigger] cs[i].covers(p) ==> !(
        #[trigger] cs[j].covers(p))
}

/// Any two combinations of `cs` that share a coordinate have the same
/// color. This holds of every set of combinations detected on one grid,
/// since a cell has exactly one color.
pub open spec fn coherent(cs: Seq<GemCombination>) -> bool {
    forall|i: int, j: int, p: (usize, usize)|
        0 <= i < cs.len() && 0 <= j < cs.len() && #[trigger] cs[i].covers(p) && #[trigger] cs[j].covers(
            p,
        ) ==> cs[i].color == cs[j].color
}

/// Some combination of `cs` contains the combination `c`: same color and
/// a superset of its coordinates.
pub open spec fn absorbs(cs: Seq<GemCombination>, c: GemCombination) -> bool {
    exists|m: int|
        #![trigger cs[m]]
        0 <= m < cs.len() && cs[m].color == c.color && combo_subset(c, cs[m])
}

/// Every combination of `cs1` is contained, color and coordinates, in
/// some combination of `cs2`: merging drops nothing.
pub open spec fn absorbed_in(cs1: Seq<GemCombination>, cs2: Seq<GemCombination>) -> bool {
    forall|k: int| #![trigger cs1[k]] 0 <= k < cs1.len() ==> absorbs(cs2, cs1[k])
}

/// The combination `c` has the color of, and covers every coordinate of,
/// some combination of `cs`: merging only ever grows one of its inputs.
pub open spec fn extends_one_of(c: GemCombination, cs: Seq<GemCombination>) -> bool {
    exists|m: int|
        #![trigger cs[m]]
        0 <= m < cs.len() && c.color == cs[m].color && combo_subset(cs[m], c)
}

/// [`extends_one_of`] for every combination of `cs2`.
pub open spec fn each_extends_one(cs2: Seq<GemCombination>, cs1: Seq<GemCombination>) -> bool {
    forall|k: int| #![trigger cs2[k]] 0 <= k < cs2.len() ==> extends_one_of(cs2[k], cs1)
}

/// Some combination of `cs` covers `p` and has the given color.
pub open spec fn color_covered_by(
    cs: Seq<GemCombination>,
    p: (usize, usize),
    color: GemColor,
) -> bool {
    exists|m: int| 0 <= m < cs.len() && #[trigger] cs[m].covers(p) && cs[m].color == color
}

/// Every coordinate of every combination of `cs2` appears, with the same
/// color, in some combination of `cs1`: merging invents nothing.
pub open spec fn colors_from(cs2: Seq<GemCombination>, cs1: Seq<GemCombination>) -> bool {
    forall|k: int, p: (usize, usize)|
        0 <= k < cs2.len() && #[trigger] cs2[k].covers(p) ==> color_covered_by(
            cs1,
            p,
            cs2[k].color,
        )
}

/// The two sequences hold the same combinations, position by position:
/// same color, same coordinates in the same order.
pub open spec fn same_combinations(cs1: Seq<GemCombination>, cs2: Seq<GemCombination>) -> bool {
    &&& cs1.len() == cs2.len()
    &&& forall|k: int|
        0 <= k < cs1.len() ==> (#[trigger] cs1[k]).color == cs2[k].color
            && cs1[k].combinations@ == cs2[k].combinations@
}

/// Some combination of `cs` has the given color and covers every
/// coordinate of `coords`.
pub open spec fn run_absorbed(
    cs: Seq<GemCombination>,
    coords: Seq<(usize, usize)>,
    color: GemColor,
) -> bool {
    exists|k: int|
        0 <= k < cs.len() && (#[trigger] cs[k]).color == color && forall|m: int|
            0 <= m < coords.len() ==> cs[k].covers(#[trigger] coords[m])
}

} // verus!
