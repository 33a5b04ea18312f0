//! The combination detector: scans a grid (and its transpose) for runs of
//! at least [`MIN_COMB_SIZE`] same-colored gems and coalesces overlapping
//! runs into single combinations by merging to a fixed point.

use crate::board::{
    column_match, grid_wf, in_column_run, in_row_run, lemma_transpose_runs,
    lemma_transpose_window, transpose_of, window_match, Board,
};
use crate::constants::MIN_COMB_SIZE;
use crate::gem::Gem;
use crate::gem_color::GemColor;
use crate::gem_combination::{
    absorbed_in, absorbs, all_wf, coherent, color_covered_by, colors_from, combo_subset, covered,
    each_extends_one, extends_one_of, has_shared_coordinate, pairwise_disjoint, run_absorbed,
    run_coords, same_combinations, should_merge_spec, GemCombination,
};
use vstd::prelude::*;

verus! {

broadcast use vstd::seq_lib::group_seq_properties;

/// True when every gem of the given run has the color of the first one.
pub fn gems_are_matching(possible_match: &[Gem]) -> (result: bool)
    requires
        possible_match@.len() > 0,
    ensures
        result <==> (forall|k: int|
            0 <= k < possible_match@.len() ==> (#[trigger] possible_match@[k]).color
                == possible_match@[0].color),
{
    let color = possible_match[0].color;
    let count = possible_match.len();
    let mut k: usize = 1;
    while k < count
        invariant
            count == possible_match@.len(),
            1 <= k <= count,
            color == possible_match@[0].color,
            forall|m: int| 0 <= m < k ==> (#[trigger] possible_match@[m]).color == color,
        decreases count - k,
    {
        if possible_match[k].color != color {
            return false;
        }
        k = k + 1;
    }
    true
}

/// True when the list of coordinates holds the given one.
fn coords_contain(coordinates: &Vec<(usize, usize)>, target: (usize, usize)) -> (result: bool)
    ensures
        result == coordinates@.contains(target),
{
    let mut k: usize = 0;
    while k < coordinates.len()
        invariant
            k <= coordinates@.len(),
            forall|m: int| 0 <= m < k ==> coordinates@[m] != target,
        decreases coordinates@.len() - k,
    {
        let p = coordinates[k];
        if p.0 == target.0 && p.1 == target.1 {
            return true;
        }
        k = k + 1;
    }
    false
}

/// True when the two combinations have the same color and share at least
/// one coordinate.
pub fn combinations_should_be_merged(a: &GemCombination, b: &GemCombination) -> (result: bool)
    ensures
        result == should_merge_spec(*a, *b),
{
    if a.color != b.color {
        return false;
    }
    let mut k: usize = 0;
    while k < a.combinations.len()
        invariant
            a.color == b.color,
            k <= a.combinations@.len(),
            forall|m: int| 0 <= m < k ==> !b.combinations@.contains(#[trigger] a.combinations@[m]),
        decreases a.combinations@.len() - k,
    {
        if coords_contain(&b.combinations, a.combinations[k]) {
            proof {
                let p = a.combinations@[k as int];
                assert(a.covers(p) && b.covers(p));
            }
            return true;
        }
        k = k + 1;
    }
    proof {
        if should_merge_spec(*a, *b) {
            let p = choose|p: (usize, usize)|
                #![trigger a.covers(p), b.covers(p)]
                a.covers(p) && b.covers(p);
            let m = choose|m: int| 0 <= m < a.combinations@.len() && a.combinations@[m] == p;
            assert(!b.combinations@.contains(a.combinations@[m]));
        }
    }
    false
}

/// The union of two mergeable combinations: the first combination's
/// coordinates followed by those of the second that are not already
/// present, under the shared color.
pub fn merge_combinations(a: GemCombination, b: GemCombination) -> (result: GemCombination)
    requires
        a.wf(),
        b.wf(),
        should_merge_spec(a, b),
    ensures
        result.color == a.color,
        result.color == b.color,
        result.wf(),
        forall|p: (usize, usize)|
            #![trigger result.covers(p)]
            #![trigger a.covers(p)]
            #![trigger b.covers(p)]
            result.covers(p) <==> a.covers(p) || b.covers(p),
        result.combinations@.len() >= a.combinations@.len(),
{
    let mut a = a;
    let ghost a_coords = a.combinations@;
    let mut new_combinations: Vec<(usize, usize)> = Vec::new();
    new_combinations.append(&mut a.combinations);
    let mut k: usize = 0;
    while k < b.combinations.len()
        invariant
            k <= b.combinations@.len(),
            b.wf(),
            new_combinations@.no_duplicates(),
            new_combinations@.len() >= a_coords.len(),
            forall|p: (usize, usize)|
                #![trigger new_combinations@.contains(p)]
                #![trigger a_coords.contains(p)]
                new_combinations@.contains(p) <==> a_coords.contains(p)
                    || b.combinations@.take(k as int).contains(p),
        decreases b.combinations@.len() - k,
    {
        let p = b.combinations[k];
        if !coords_contain(&new_combinations, p) {
            let ghost before = new_combinations@;
            new_combinations.push(p);
            proof {
                assert forall|i: int, j: int|
                    0 <= i < j < new_combinations@.len() implies new_combinations@[i]
                    != new_combinations@[j] by {
                    if j == new_combinations@.len() - 1 {
                        assert(before.contains(before[i]));
                    }
                }
            }
        }
        proof {
            assert(b.combinations@.take(k + 1) =~= b.combinations@.take(k as int).push(
                b.combinations@[k as int],
            ));
        }
        k = k + 1;
    }
    proof {
        assert(b.combinations@.take(b.combinations@.len() as int) =~= b.combinations@);
    }
    GemCombination { color: a.color, combinations: new_combinations }
}

/// True when some coordinate occurs twice among the listed coordinates of
/// the given combinations: the count of (combination, coordinate) pairs
/// then exceeds the count of distinct coordinates, so two combinations
/// can be merged (or one lists a cell twice).
pub fn contains_mergeable_combinations(combinations: &Vec<GemCombination>) -> (result: bool)
    ensures
        result == has_shared_coordinate(combinations@),
{
    let mut seen: Vec<(usize, usize)> = Vec::new();
    let mut i: usize = 0;
    while i < combinations.len()
        invariant
            i <= combinations@.len(),
            forall|p: (usize, usize)| #[trigger]
                seen@.contains(p) <==> covered(combinations@.take(i as int), p),
            forall|i1: int, k1: int, i2: int, k2: int|
                #![trigger combinations@[i1].combinations@[k1], combinations@[i2].combinations@[k2]]
                {
                    (0 <= i1 < i && 0 <= i2 < i && 0 <= k1
                        < combinations@[i1].combinations@.len() && 0 <= k2
                        < combinations@[i2].combinations@.len() && (i1 != i2 || k1 != k2))
                        ==> combinations@[i1].combinations@[k1]
                        != combinations@[i2].combinations@[k2]
                },
        decreases combinations@.len() - i,
    {
        let current = &combinations[i];
        let mut k: usize = 0;
        while k < current.combinations.len()
            invariant
                i < combinations@.len(),
                *current == combinations@[i as int],
                k <= current.combinations@.len(),
                forall|p: (usize, usize)| #[trigger]
                    seen@.contains(p) <==> covered(combinations@.take(i as int), p)
                        || current.combinations@.take(k as int).contains(p),
                forall|i1: int, k1: int, i2: int, k2: int|
                    #![trigger combinations@[i1].combinations@[k1], combinations@[i2].combinations@[k2]]
                    {
                        (0 <= i1 < i && 0 <= i2 < i && 0 <= k1
                            < combinations@[i1].combinations@.len() && 0 <= k2
                            < combinations@[i2].combinations@.len() && (i1 != i2 || k1 != k2))
                            ==> combinations@[i1].combinations@[k1]
                            != combinations@[i2].combinations@[k2]
                    },
                forall|i1: int, k1: int, k2: int|
                    #![trigger combinations@[i1].combinations@[k1], current.combinations@[k2]]
                    {
                        (0 <= i1 < i && 0 <= k1 < combinations@[i1].combinations@.len() && 0 <= k2
                            < k) ==> combinations@[i1].combinations@[k1]
                            != current.combinations@[k2]
                    },
                forall|k1: int, k2: int|
                    #![trigger current.combinations@[k1], current.combinations@[k2]]
                    { (0 <= k1 < k2 < k) ==> current.combinations@[k1] != current.combinations@[k2]
                    },
            decreases current.combinations@.len() - k,
        {
            let coordinate = current.combinations[k];
            if coords_contain(&seen, coordinate) {
                proof {
                    let p = current.combinations@[k as int];
                    if covered(combinations@.take(i as int), p) {
                        let i2 = choose|i2: int|
                            0 <= i2 < i && #[trigger] combinations@.take(i as int)[i2].covers(p);
                        let k2 = choose|k2: int|
                            0 <= k2 < combinations@[i2].combinations@.len()
                                && combinations@[i2].combinations@[k2] == p;
                        assert(combinations@[i2].combinations@[k2]
                            == combinations@[i as int].combinations@[k as int]);
                    } else {
                        let k2 = choose|k2: int|
                            0 <= k2 < k && current.combinations@.take(k as int)[k2] == p;
                        assert(combinations@[i as int].combinations@[k2]
                            == combinations@[i as int].combinations@[k as int]);
                    }
                    assert(has_shared_coordinate(combinations@));
                }
                return true;
            }
            seen.push(coordinate);
            k = k + 1;
            proof {
                assert(current.combinations@.take(k as int) =~= current.combinations@.take(
                    (k - 1) as int,
                ).push(current.combinations@[k - 1]));
                let p = current.combinations@[k - 1];
                assert forall|i1: int, k1: int|
                    0 <= i1 < i && 0 <= k1
                        < combinations@[i1].combinations@.len() implies combinations@[i1].combinations@[k1]
                    != p by {
                    if combinations@[i1].combinations@[k1] == p {
                        assert(combinations@.take(i as int)[i1].covers(p));
                        assert(covered(combinations@.take(i as int), p));
                    }
                }
                assert forall|k1: int| 0 <= k1 < k - 1 implies current.combinations@[k1] != p by {
                    if current.combinations@[k1] == p {
                        assert(current.combinations@.take((k - 1) as int)[k1] == p);
                        assert(current.combinations@.take((k - 1) as int).contains(p));
                    }
                }
            }
        }
        proof {
            assert(current.combinations@.take(current.combinations@.len() as int)
                =~= current.combinations@);
            let extended = combinations@.take(i + 1);
            assert forall|p: (usize, usize)| #[trigger]
                seen@.contains(p) implies covered(extended, p) by {
                if covered(combinations@.take(i as int), p) {
                    let i2 = choose|i2: int|
                        0 <= i2 < i && #[trigger] combinations@.take(i as int)[i2].covers(p);
                    assert(extended[i2].covers(p));
                } else {
                    assert(extended[i as int].covers(p));
                }
            }
            assert forall|p: (usize, usize)|
                covered(extended, p) implies #[trigger] seen@.contains(p) by {
                let i2 = choose|i2: int|
                    0 <= i2 < extended.len() && #[trigger] extended[i2].covers(p);
                if i2 < i {
                    assert(combinations@.take(i as int)[i2].covers(p));
                    assert(covered(combinations@.take(i as int), p));
                } else {
                    assert(current.combinations@.contains(p));
                }
            }
        }
        i = i + 1;
    }
    proof {
        assert(combinations@.take(combinations@.len() as int) =~= combinations@);
        if has_shared_coordinate(combinations@) {
            let (i1, k1, i2, k2) = choose|i1: int, k1: int, i2: int, k2: int|
                #![trigger combinations@[i1].combinations@[k1], combinations@[i2].combinations@[k2]]
                {
                    &&& 0 <= i1 < combinations@.len() && 0 <= i2 < combinations@.len()
                    &&& 0 <= k1 < combinations@[i1].combinations@.len() && 0 <= k2
                        < combinations@[i2].combinations@.len()
                    &&& (i1 != i2 || k1 != k2)
                    &&& combinations@[i1].combinations@[k1] == combinations@[i2].combinations@[k2]
                };
            assert(combinations@[i1].combinations@[k1] != combinations@[i2].combinations@[k2]);
        }
    }
    false
}

/// Number of true entries in a sequence of booleans.
spec fn count_true(s: Seq<bool>) -> int
    decreases s.len(),
{
    if s.len() == 0 {
        0
    } else {
        (if s[0] {
            1int
        } else {
            0int
        }) + count_true(s.skip(1))
    }
}

proof fn lemma_count_true_step(s: Seq<bool>, i: int)
    requires
        0 <= i < s.len(),
    ensures
        count_true(s.skip(i)) == (if s[i] {
            1int
        } else {
            0int
        }) + count_true(s.skip(i + 1)),
{
    assert(s.skip(i).skip(1) =~= s.skip(i + 1));
    assert(s.skip(i)[0] == s[i]);
}

proof fn lemma_count_true_set(s: Seq<bool>, m: int)
    requires
        0 <= m < s.len(),
        !s[m],
    ensures
        count_true(s.update(m, true)) == count_true(s) + 1,
    decreases m,
{
    if m == 0 {
        assert(s.update(0, true).skip(1) =~= s.skip(1));
    } else {
        assert(s.update(m, true).skip(1) =~= s.skip(1).update(m - 1, true));
        lemma_count_true_set(s.skip(1), m - 1);
    }
}

proof fn lemma_count_true_all_false(s: Seq<bool>)
    requires
        forall|i: int| 0 <= i < s.len() ==> !s[i],
    ensures
        count_true(s) == 0,
    decreases s.len(),
{
    if s.len() > 0 {
        lemma_count_true_all_false(s.skip(1));
    }
}

/// The first combination after `outer` that is not yet consumed by this
/// merge pass and can merge with `combinations[outer]`, if any.
fn find_merge_partner(
    combinations: &Vec<GemCombination>,
    consumed: &Vec<bool>,
    outer: usize,
) -> (result: Option<usize>)
    requires
        consumed@.len() == combinations@.len(),
        outer < combinations@.len(),
    ensures
        match result {
            Some(j) => outer < j < combinations@.len() && !consumed@[j as int]
                && should_merge_spec(combinations@[outer as int], combinations@[j as int]),
            None => forall|j: int|
                outer < j < combinations@.len() && !consumed@[j] ==> !should_merge_spec(
                    combinations@[outer as int],
                    #[trigger] combinations@[j],
                ),
        },
{
    let count = combinations.len();
    let mut j: usize = outer + 1;
    while j < count
        invariant
            count == combinations@.len(),
            consumed@.len() == combinations@.len(),
            outer < j,
            j <= combinations@.len(),
            forall|m: int|
                outer < m < j && !consumed@[m] ==> !should_merge_spec(
                    combinations@[outer as int],
                    #[trigger] combinations@[m],
                ),
        decreases combinations@.len() - j,
    {
        if !consumed[j] && combinations_should_be_merged(&combinations[outer], &combinations[j]) {
            return Some(j);
        }
        j = j + 1;
    }
    None
}

/// One merge pass: walks the combinations in order; each one not yet
/// consumed is merged with the first later unconsumed combination it
/// shares a coordinate and color with (both are then consumed), or passes
/// through unchanged. Coordinates are never dropped or invented, and if
/// any mergeable pair existed the pass returns strictly fewer
/// combinations.
#[verifier::rlimit(80)]
pub fn sanitize_combinations(combinations: Vec<GemCombination>) -> (result: Vec<GemCombination>)
    requires
        all_wf(combinations@),
    ensures
        all_wf(result@),
        result@.len() <= combinations@.len(),
        absorbed_in(combinations@, result@),
        colors_from(result@, combinations@),
        each_extends_one(result@, combinations@),
        (exists|i: int, j: int|
            0 <= i < j < combinations@.len() && #[trigger] should_merge_spec(
                combinations@[i],
                combinations@[j],
            )) ==> result@.len() < combinations@.len(),
        (forall|i: int, j: int|
            0 <= i < j < combinations@.len() ==> !(#[trigger] should_merge_spec(
                combinations@[i],
                combinations@[j],
            ))) ==> same_combinations(result@, combinations@),
{
    let n = combinations.len();
    let mut consumed: Vec<bool> = Vec::new();
    let mut idx: usize = 0;
    while idx < n
        invariant
            idx <= n,
            consumed@.len() == idx,
            forall|m: int| 0 <= m < idx ==> !consumed@[m],
        decreases n - idx,
    {
        consumed.push(false);
        idx = idx + 1;
    }
    proof {
        assert(consumed@.skip(0) =~= consumed@);
        lemma_count_true_all_false(consumed@);
    }
    let mut result: Vec<GemCombination> = Vec::new();
    let mut merged_any: bool = false;
    let mut outer: usize = 0;
    while outer < n
        invariant
            n == combinations@.len(),
            consumed@.len() == n,
            outer <= n,
            all_wf(combinations@),
            all_wf(result@),
            forall|m: int| 0 <= m < outer ==> consumed@[m],
            result@.len() + (if merged_any {
                1int
            } else {
                0int
            }) <= outer + count_true(consumed@.skip(outer as int)),
            forall|m: int|
                0 <= m < n && #[trigger] consumed@[m] ==> absorbs(result@, combinations@[m]),
            colors_from(result@, combinations@),
            each_extends_one(result@, combinations@),
            merged_any ==> exists|a: int, b: int|
                0 <= a < b < n && #[trigger] should_merge_spec(combinations@[a], combinations@[b]),
            !merged_any ==> (forall|j: int| outer <= j < n ==> !consumed@[j]),
            !merged_any ==> (forall|a: int, b: int|
                0 <= a < outer && a < b < n ==> !(#[trigger] should_merge_spec(
                    combinations@[a],
                    combinations@[b],
                ))),
            !merged_any ==> same_combinations(result@, combinations@.take(outer as int)),
        decreases n - outer,
    {
        if consumed[outer] {
            proof {
                lemma_count_true_step(consumed@, outer as int);
            }
        } else {
            match find_merge_partner(&combinations, &consumed, outer) {
                Some(j) => {
                    let dup_a = combinations[outer].duplicate();
                    let dup_b = combinations[j].duplicate();
                    proof {
                        let p = choose|p: (usize, usize)|
                            #![trigger combinations@[outer as int].covers(p), combinations@[j as int].covers(p)]
                            combinations@[outer as int].covers(p) && combinations@[j as int].covers(
                                p,
                            );
                        assert(dup_a.covers(p) && dup_b.covers(p));
                        assert(should_merge_spec(dup_a, dup_b));
                    }
                    let merged = merge_combinations(dup_a, dup_b);
                    let ghost old_result = result@;
                    let ghost old_consumed = consumed@;
                    result.push(merged);
                    consumed[outer] = true;
                    consumed[j] = true;
                    merged_any = true;
                    proof {
                        lemma_count_true_step(old_consumed, outer as int);
                        assert(consumed@.skip(outer + 1) =~= old_consumed.skip(outer + 1).update(
                            j - outer - 1,
                            true,
                        ));
                        lemma_count_true_set(old_consumed.skip(outer + 1), j - outer - 1);
                        assert(combo_subset(combinations@[outer as int], merged));
                        assert(combo_subset(combinations@[j as int], merged));
                        assert forall|m: int|
                            0 <= m < n && #[trigger] consumed@[m] implies absorbs(
                            result@,
                            combinations@[m],
                        ) by {
                            if m == outer || m == j {
                                assert(result@[result@.len() - 1] == merged);
                                assert(combo_subset(combinations@[m], merged));
                            } else {
                                assert(old_consumed[m]);
                                assert(absorbs(old_result, combinations@[m]));
                                let k = choose|k: int|
                                    #![trigger old_result[k]]
                                    0 <= k < old_result.len() && old_result[k].color
                                        == combinations@[m].color && combo_subset(
                                        combinations@[m],
                                        old_result[k],
                                    );
                                assert(result@[k] == old_result[k]);
                            }
                        }
                        assert forall|k: int, p: (usize, usize)|
                            0 <= k < result@.len() && #[trigger] result@[k].covers(
                                p,
                            ) implies color_covered_by(combinations@, p, result@[k].color) by {
                            if k == result@.len() - 1 {
                                assert(combinations@[outer as int].covers(p)
                                    || combinations@[j as int].covers(p));
                            } else {
                                assert(old_result[k].covers(p));
                            }
                        }
                        assert forall|k: int| #![trigger result@[k]] 0 <= k
                            < result@.len() implies extends_one_of(result@[k], combinations@) by {
                            if k == result@.len() - 1 {
                                assert(merged.color == combinations@[outer as int].color);
                                assert(combo_subset(combinations@[outer as int], merged));
                            } else {
                                assert(extends_one_of(old_result[k], combinations@));
                                assert(result@[k] == old_result[k]);
                            }
                        }
                    }
                }
                None => {
                    let ghost old_result = result@;
                    let ghost old_consumed = consumed@;
                    result.push(combinations[outer].duplicate());
                    consumed[outer] = true;
                    proof {
                        lemma_count_true_step(old_consumed, outer as int);
                        assert(consumed@.skip(outer + 1) =~= old_consumed.skip(outer + 1));
                        let pushed = result@[result@.len() - 1];
                        assert(pushed.color == combinations@[outer as int].color);
                        assert(pushed.combinations@ == combinations@[outer as int].combinations@);
                        assert(combo_subset(combinations@[outer as int], pushed));
                        assert forall|m: int|
                            0 <= m < n && #[trigger] consumed@[m] implies absorbs(
                            result@,
                            combinations@[m],
                        ) by {
                            if m == outer {
                                assert(result@[result@.len() - 1] == pushed);
                            } else {
                                assert(old_consumed[m]);
                                assert(absorbs(old_result, combinations@[m]));
                                let k = choose|k: int|
                                    #![trigger old_result[k]]
                                    0 <= k < old_result.len() && old_result[k].color
                                        == combinations@[m].color && combo_subset(
                                        combinations@[m],
                                        old_result[k],
                                    );
                                assert(result@[k] == old_result[k]);
                            }
                        }
                        assert forall|k: int, p: (usize, usize)|
                            0 <= k < result@.len() && #[trigger] result@[k].covers(
                                p,
                            ) implies color_covered_by(combinations@, p, result@[k].color) by {
                            if k == result@.len() - 1 {
                                assert(combinations@[outer as int].covers(p));
                            } else {
                                assert(old_result[k].covers(p));
                            }
                        }
                        assert forall|k: int| #![trigger result@[k]] 0 <= k
                            < result@.len() implies extends_one_of(result@[k], combinations@) by {
                            if k == result@.len() - 1 {
                                assert(pushed.color == combinations@[outer as int].color);
                                assert(combo_subset(combinations@[outer as int], pushed));
                            } else {
                                assert(extends_one_of(old_result[k], combinations@));
                                assert(result@[k] == old_result[k]);
                            }
                        }
                        if !merged_any {
                            assert(combinations@.take(outer + 1) =~= combinations@.take(
                                outer as int,
                            ).push(combinations@[outer as int]));
                        }
                    }
                }
            }
        }
        outer = outer + 1;
    }
    proof {
        assert(consumed@.skip(n as int) =~= Seq::<bool>::empty());
        assert(count_true(Seq::<bool>::empty()) == 0);
        assert forall|k2: int| #![trigger combinations@[k2]] 0 <= k2
            < combinations@.len() implies absorbs(result@, combinations@[k2]) by {
            assert(consumed@[k2]);
        }
        if exists|i: int, j: int|
            0 <= i < j < combinations@.len() && #[trigger] should_merge_spec(
                combinations@[i],
                combinations@[j],
            ) {
            assert(merged_any);
        }
        if forall|i: int, j: int|
            0 <= i < j < combinations@.len() ==> !(#[trigger] should_merge_spec(
                combinations@[i],
                combinations@[j],
            )) {
            if merged_any {
                let (a, b) = choose|a: int, b: int|
                    0 <= a < b < n && #[trigger] should_merge_spec(
                        combinations@[a],
                        combinations@[b],
                    );
                assert(false);
            }
            assert(combinations@.take(n as int) =~= combinations@);
        }
    }
    result
}

proof fn lemma_absorbed_refl(cs: Seq<GemCombination>)
    ensures
        absorbed_in(cs, cs),
        colors_from(cs, cs),
        each_extends_one(cs, cs),
{
    assert forall|k: int| #![trigger cs[k]] 0 <= k < cs.len() implies absorbs(cs, cs[k])
        && extends_one_of(cs[k], cs) by {
        assert(combo_subset(cs[k], cs[k]));
    }
    assert forall|k: int, p: (usize, usize)|
        0 <= k < cs.len() && #[trigger] cs[k].covers(p) implies color_covered_by(
        cs,
        p,
        cs[k].color,
    ) by {
        assert(cs[k].covers(p) && cs[k].color == cs[k].color);
    }
}

proof fn lemma_absorbed_trans(a: Seq<GemCombination>, b: Seq<GemCombination>, c: Seq<
    GemCombination,
>)
    requires
        absorbed_in(a, b),
        absorbed_in(b, c),
    ensures
        absorbed_in(a, c),
{
    assert forall|k: int| #![trigger a[k]] 0 <= k < a.len() implies absorbs(c, a[k]) by {
        let m1 = choose|m1: int|
            #![trigger b[m1]]
            0 <= m1 < b.len() && b[m1].color == a[k].color && combo_subset(a[k], b[m1]);
        let m2 = choose|m2: int|
            #![trigger c[m2]]
            0 <= m2 < c.len() && c[m2].color == b[m1].color && combo_subset(b[m1], c[m2]);
        assert(combo_subset(a[k], c[m2]));
    }
}

proof fn lemma_colors_from_trans(c: Seq<GemCombination>, b: Seq<GemCombination>, a: Seq<
    GemCombination,
>)
    requires
        colors_from(c, b),
        colors_from(b, a),
    ensures
        colors_from(c, a),
{
    assert forall|k: int, p: (usize, usize)|
        0 <= k < c.len() && #[trigger] c[k].covers(p) implies color_covered_by(
        a,
        p,
        c[k].color,
    ) by {
        let m1 = choose|m1: int|
            0 <= m1 < b.len() && #[trigger] b[m1].covers(p) && b[m1].color == c[k].color;
        assert(color_covered_by(a, p, b[m1].color));
    }
}

proof fn lemma_extends_trans(c: Seq<GemCombination>, b: Seq<GemCombination>, a: Seq<
    GemCombination,
>)
    requires
        each_extends_one(c, b),
        each_extends_one(b, a),
    ensures
        each_extends_one(c, a),
{
    assert forall|k: int| #![trigger c[k]] 0 <= k < c.len() implies extends_one_of(c[k], a) by {
        let m1 = choose|m1: int|
            #![trigger b[m1]]
            0 <= m1 < b.len() && c[k].color == b[m1].color && combo_subset(b[m1], c[k]);
        let m2 = choose|m2: int|
            #![trigger a[m2]]
            0 <= m2 < a.len() && b[m1].color == a[m2].color && combo_subset(a[m2], b[m1]);
        assert(combo_subset(a[m2], c[k]));
    }
}

proof fn lemma_coherent_from(after: Seq<GemCombination>, before: Seq<GemCombination>)
    requires
        coherent(before),
        colors_from(after, before),
    ensures
        coherent(after),
{
    assert forall|i: int, j: int, p: (usize, usize)|
        0 <= i < after.len() && 0 <= j < after.len() && #[trigger] after[i].covers(p)
            && #[trigger] after[j].covers(p) implies after[i].color == after[j].color by {
        let mi = choose|mi: int|
            0 <= mi < before.len() && #[trigger] before[mi].covers(p) && before[mi].color
                == after[i].color;
        let mj = choose|mj: int|
            0 <= mj < before.len() && #[trigger] before[mj].covers(p) && before[mj].color
                == after[j].color;
        assert(before[mi].color == before[mj].color);
    }
}

proof fn lemma_merge_pair_exists(cs: Seq<GemCombination>)
    requires
        all_wf(cs),
        coherent(cs),
        has_shared_coordinate(cs),
    ensures
        exists|i: int, j: int| 0 <= i < j < cs.len() && #[trigger] should_merge_spec(cs[i], cs[j]),
{
    let (i1, k1, i2, k2) = choose|i1: int, k1: int, i2: int, k2: int|
        #![trigger cs[i1].combinations@[k1], cs[i2].combinations@[k2]]
        {
            &&& 0 <= i1 < cs.len() && 0 <= i2 < cs.len()
            &&& 0 <= k1 < cs[i1].combinations@.len() && 0 <= k2 < cs[i2].combinations@.len()
            &&& (i1 != i2 || k1 != k2)
            &&& cs[i1].combinations@[k1] == cs[i2].combinations@[k2]
        };
    let p = cs[i1].combinations@[k1];
    assert(cs[i1].covers(p) && cs[i2].covers(p));
    assert(i1 != i2);
    assert(cs[i1].color == cs[i2].color);
    if i1 < i2 {
        assert(should_merge_spec(cs[i1], cs[i2]));
    } else {
        assert(should_merge_spec(cs[i2], cs[i1]));
    }
}

proof fn lemma_not_shared_disjoint(cs: Seq<GemCombination>)
    requires
        !has_shared_coordinate(cs),
    ensures
        pairwise_disjoint(cs),
{
    assert forall|i: int, j: int, p: (usize, usize)|
        0 <= i < cs.len() && 0 <= j < cs.len() && i != j && #[trigger] cs[i].covers(p) implies !(
    #[trigger] cs[j].covers(p)) by {
        if cs[j].covers(p) {
            let k1 = choose|k1: int|
                0 <= k1 < cs[i].combinations@.len() && cs[i].combinations@[k1] == p;
            let k2 = choose|k2: int|
                0 <= k2 < cs[j].combinations@.len() && cs[j].combinations@[k2] == p;
            assert(cs[i].combinations@[k1] == cs[j].combinations@[k2]);
            assert(has_shared_coordinate(cs));
        }
    }
}

proof fn lemma_disjoint_not_shared(cs: Seq<GemCombination>)
    requires
        all_wf(cs),
        pairwise_disjoint(cs),
    ensures
        !has_shared_coordinate(cs),
{
    if has_shared_coordinate(cs) {
        let (i1, k1, i2, k2) = choose|i1: int, k1: int, i2: int, k2: int|
            #![trigger cs[i1].combinations@[k1], cs[i2].combinations@[k2]]
            {
                &&& 0 <= i1 < cs.len() && 0 <= i2 < cs.len()
                &&& 0 <= k1 < cs[i1].combinations@.len() && 0 <= k2 < cs[i2].combinations@.len()
                &&& (i1 != i2 || k1 != k2)
                &&& cs[i1].combinations@[k1] == cs[i2].combinations@[k2]
            };
        let p = cs[i1].combinations@[k1];
        assert(cs[i1].covers(p) && cs[i2].covers(p));
        assert(i1 != i2);
        assert(false);
    }
}

proof fn lemma_same_combinations_shared(cs1: Seq<GemCombination>, cs2: Seq<GemCombination>)
    requires
        same_combinations(cs1, cs2),
        has_shared_coordinate(cs1),
    ensures
        has_shared_coordinate(cs2),
{
    let (i1, k1, i2, k2) = choose|i1: int, k1: int, i2: int, k2: int|
        #![trigger cs1[i1].combinations@[k1], cs1[i2].combinations@[k2]]
        {
            &&& 0 <= i1 < cs1.len() && 0 <= i2 < cs1.len()
            &&& 0 <= k1 < cs1[i1].combinations@.len() && 0 <= k2 < cs1[i2].combinations@.len()
            &&& (i1 != i2 || k1 != k2)
            &&& cs1[i1].combinations@[k1] == cs1[i2].combinations@[k2]
        };
    assert(cs2[i1].combinations@[k1] == cs2[i2].combinations@[k2]);
}

/// The row a stored coordinate refers to. Coordinates are `(column, row)`
/// pairs; a scan that ran on a transposed grid stores them the other way
/// around (`inverted`), so that they name cells of the grid the caller
/// started from.
pub open spec fn coord_row(p: (usize, usize), inverted: bool) -> int {
    if inverted {
        p.0 as int
    } else {
        p.1 as int
    }
}

/// The column a stored coordinate refers to; see [`coord_row`].
pub open spec fn coord_col(p: (usize, usize), inverted: bool) -> int {
    if inverted {
        p.1 as int
    } else {
        p.0 as int
    }
}

/// Every coordinate of `c` names a cell of `g`, and that cell holds the
/// combination's color.
pub open spec fn combo_on_grid(g: Seq<Seq<Gem>>, c: GemCombination, inverted: bool) -> bool {
    forall|k: int|
        #![trigger c.combinations@[k]]
        0 <= k < c.combinations@.len() ==> {
            let row = coord_row(c.combinations@[k], inverted);
            let col = coord_col(c.combinations@[k], inverted);
            &&& 0 <= row < g.len()
            &&& 0 <= col < g.len()
            &&& g[row][col].color == c.color
        }
}

/// [`combo_on_grid`] for every combination of `cs`.
pub open spec fn all_on_grid(g: Seq<Seq<Gem>>, cs: Seq<GemCombination>, inverted: bool) -> bool {
    forall|k: int| #![trigger cs[k]] 0 <= k < cs.len() ==> combo_on_grid(g, cs[k], inverted)
}

/// Every combination of `cs` is exactly one matched window of `g`'s rows,
/// with coordinates in the frame given by `invert`.
pub open spec fn all_window_combos(g: Seq<Seq<Gem>>, cs: Seq<GemCombination>, invert: bool) -> bool {
    forall|k: int|
        #![trigger cs[k]]
        0 <= k < cs.len() ==> exists|row: int, col: int|
            #![trigger window_match(g, row, col)]
            window_match(g, row, col) && cs[k].color == g[row][col].color
                && cs[k].combinations@ == run_coords(row as usize, col as usize, invert)
}

/// Every matched window of `g`'s rows appears as a combination in `cs`.
pub open spec fn window_combos_complete(
    g: Seq<Seq<Gem>>,
    cs: Seq<GemCombination>,
    invert: bool,
) -> bool {
    forall|row: int, col: int|
        #[trigger] window_match(g, row, col) ==> exists|k: int|
            #![trigger cs[k]]
            0 <= k < cs.len() && cs[k].color == g[row][col].color && cs[k].combinations@
                == run_coords(row as usize, col as usize, invert)
}

/// The coordinate `p` names a cell inside a matched run of `g`: a
/// horizontal one, or — when the scan covered both orientations, that is
/// `skip_transposition` was false — a vertical one too.
pub open spec fn scan_hit(g: Seq<Seq<Gem>>, p: (usize, usize), skip_transposition: bool) -> bool {
    if skip_transposition {
        in_row_run(g, coord_col(p, true), coord_row(p, true))
    } else {
        in_row_run(g, p.0 as int, p.1 as int) || in_column_run(g, p.0 as int, p.1 as int)
    }
}

proof fn lemma_run_coords_facts(row: usize, col: usize, invert: bool)
    requires
        col + MIN_COMB_SIZE <= usize::MAX,
    ensures
        run_coords(row, col, invert).no_duplicates(),
        run_coords(row, col, invert).len() == MIN_COMB_SIZE,
        forall|m: int|
            0 <= m < MIN_COMB_SIZE ==> coord_row(#[trigger] run_coords(row, col, invert)[m], invert)
                == row && coord_col(run_coords(row, col, invert)[m], invert) == col + m,
{
    let coords = run_coords(row, col, invert);
    assert forall|m1: int, m2: int| 0 <= m1 < m2 < coords.len() implies coords[m1]
        != coords[m2] by {
        if invert {
            assert(coords[m1].1 != coords[m2].1);
        } else {
            assert(coords[m1].0 != coords[m2].0);
        }
    }
}

proof fn lemma_window_combos_props(g: Seq<Seq<Gem>>, cs: Seq<GemCombination>, invert: bool)
    requires
        g.len() <= usize::MAX,
        all_window_combos(g, cs, invert),
    ensures
        all_wf(cs),
        all_on_grid(g, cs, invert),
        forall|k: int|
            0 <= k < cs.len() ==> (#[trigger] cs[k]).combinations@.len() == MIN_COMB_SIZE,
{
    assert forall|k: int|
        #![trigger cs[k]]
        0 <= k < cs.len() implies cs[k].wf() && combo_on_grid(g, cs[k], invert)
        && cs[k].combinations@.len() == MIN_COMB_SIZE by {
        let (row, col) = choose|row: int, col: int|
            #![trigger window_match(g, row, col)]
            window_match(g, row, col) && cs[k].color == g[row][col].color && cs[k].combinations@
                == run_coords(row as usize, col as usize, invert);
        lemma_run_coords_facts(row as usize, col as usize, invert);
        assert forall|m: int|
            #![trigger cs[k].combinations@[m]]
            0 <= m < cs[k].combinations@.len() implies {
            let prow = coord_row(cs[k].combinations@[m], invert);
            let pcol = coord_col(cs[k].combinations@[m], invert);
            &&& 0 <= prow < g.len()
            &&& 0 <= pcol < g.len()
            &&& g[prow][pcol].color == cs[k].color
        } by {
            assert(cs[k].combinations@[m] == run_coords(row as usize, col as usize, invert)[m]);
            assert(coord_row(cs[k].combinations@[m], invert) == row);
            assert(coord_col(cs[k].combinations@[m], invert) == col + m);
            assert(g[row][col + m].color == g[row][col].color);
        }
    }
}

proof fn lemma_on_grid_coherent(g: Seq<Seq<Gem>>, cs: Seq<GemCombination>, inverted: bool)
    requires
        all_on_grid(g, cs, inverted),
    ensures
        coherent(cs),
{
    assert forall|i: int, j: int, p: (usize, usize)|
        0 <= i < cs.len() && 0 <= j < cs.len() && #[trigger] cs[i].covers(p)
            && #[trigger] cs[j].covers(p) implies cs[i].color == cs[j].color by {
        let ki = choose|ki: int| 0 <= ki < cs[i].combinations@.len() && cs[i].combinations@[ki] == p;
        let kj = choose|kj: int| 0 <= kj < cs[j].combinations@.len() && cs[j].combinations@[kj] == p;
        assert(g[coord_row(p, inverted)][coord_col(p, inverted)].color == cs[i].color);
        assert(g[coord_row(p, inverted)][coord_col(p, inverted)].color == cs[j].color);
    }
}

proof fn lemma_transpose_on_grid(g: Seq<Seq<Gem>>, cs: Seq<GemCombination>)
    requires
        all_on_grid(transpose_of(g), cs, true),
    ensures
        all_on_grid(g, cs, false),
{
    let t = transpose_of(g);
    assert forall|k: int| #![trigger cs[k]] 0 <= k < cs.len() implies combo_on_grid(
        g,
        cs[k],
        false,
    ) by {
        assert(combo_on_grid(t, cs[k], true));
        assert forall|m: int|
            #![trigger cs[k].combinations@[m]]
            0 <= m < cs[k].combinations@.len() implies {
            let prow = coord_row(cs[k].combinations@[m], false);
            let pcol = coord_col(cs[k].combinations@[m], false);
            &&& 0 <= prow < g.len()
            &&& 0 <= pcol < g.len()
            &&& g[prow][pcol].color == cs[k].color
        } by {
            let p = cs[k].combinations@[m];
            assert(t[p.0 as int][p.1 as int] == g[p.1 as int][p.0 as int]);
        }
    }
}

proof fn lemma_on_grid_transfer(
    g: Seq<Seq<Gem>>,
    cs2: Seq<GemCombination>,
    cs1: Seq<GemCombination>,
    inverted: bool,
)
    requires
        colors_from(cs2, cs1),
        all_on_grid(g, cs1, inverted),
    ensures
        all_on_grid(g, cs2, inverted),
{
    assert forall|k: int| #![trigger cs2[k]] 0 <= k < cs2.len() implies combo_on_grid(
        g,
        cs2[k],
        inverted,
    ) by {
        assert forall|m: int|
            #![trigger cs2[k].combinations@[m]]
            0 <= m < cs2[k].combinations@.len() implies {
            let prow = coord_row(cs2[k].combinations@[m], inverted);
            let pcol = coord_col(cs2[k].combinations@[m], inverted);
            &&& 0 <= prow < g.len()
            &&& 0 <= pcol < g.len()
            &&& g[prow][pcol].color == cs2[k].color
        } by {
            let p = cs2[k].combinations@[m];
            assert(cs2[k].covers(p));
            assert(color_covered_by(cs1, p, cs2[k].color));
            let m1 = choose|m1: int|
                0 <= m1 < cs1.len() && #[trigger] cs1[m1].covers(p) && cs1[m1].color
                    == cs2[k].color;
            let km = choose|km: int|
                0 <= km < cs1[m1].combinations@.len() && cs1[m1].combinations@[km] == p;
            assert(combo_on_grid(g, cs1[m1], inverted));
        }
    }
}

proof fn lemma_covered_append(s1: Seq<GemCombination>, s2: Seq<GemCombination>)
    ensures
        forall|p: (usize, usize)| #[trigger]
            covered(s1 + s2, p) <==> covered(s1, p) || covered(s2, p),
{
    assert forall|p: (usize, usize)| #[trigger]
        covered(s1 + s2, p) <==> covered(s1, p) || covered(s2, p) by {
        if covered(s1 + s2, p) {
            let k = choose|k: int| 0 <= k < (s1 + s2).len() && #[trigger] (s1 + s2)[k].covers(p);
            if k < s1.len() {
                assert(s1[k].covers(p));
            } else {
                assert(s2[k - s1.len()].covers(p));
            }
        }
        if covered(s1, p) {
            let k = choose|k: int| 0 <= k < s1.len() && #[trigger] s1[k].covers(p);
            assert((s1 + s2)[k].covers(p));
        }
        if covered(s2, p) {
            let k = choose|k: int| 0 <= k < s2.len() && #[trigger] s2[k].covers(p);
            assert((s1 + s2)[s1.len() + k].covers(p));
        }
    }
}

proof fn lemma_on_grid_append(
    g: Seq<Seq<Gem>>,
    s1: Seq<GemCombination>,
    s2: Seq<GemCombination>,
    inverted: bool,
)
    requires
        all_on_grid(g, s1, inverted),
        all_on_grid(g, s2, inverted),
        all_wf(s1),
        all_wf(s2),
    ensures
        all_on_grid(g, s1 + s2, inverted),
        all_wf(s1 + s2),
{
    assert forall|k: int| #![trigger (s1 + s2)[k]] 0 <= k < (s1 + s2).len() implies combo_on_grid(
        g,
        (s1 + s2)[k],
        inverted,
    ) && (s1 + s2)[k].wf() by {
        if k < s1.len() {
            assert((s1 + s2)[k] == s1[k]);
        } else {
            assert((s1 + s2)[k] == s2[k - s1.len()]);
        }
    }
}

/// The raw scan of one grid's rows: one combination per matched window,
/// in row-major order, with coordinates in the frame given by `invert`.
fn scan_rows(board: &Board, invert: bool) -> (result: Vec<GemCombination>)
    requires
        grid_wf(board@),
    ensures
        all_window_combos(board@, result@, invert),
        window_combos_complete(board@, result@, invert),
{
    let n = board.board.len();
    let mut result: Vec<GemCombination> = Vec::new();
    let mut row_num: usize = 0;
    while row_num < n
        invariant
            grid_wf(board@),
            n == board@.len(),
            row_num <= n,
            all_window_combos(board@, result@, invert),
            forall|row: int, col: int|
                0 <= row < row_num && #[trigger] window_match(board@, row, col) ==> exists|k: int|
                    #![trigger result@[k]]
                    0 <= k < result@.len() && result@[k].color == board@[row][col].color
                        && result@[k].combinations@ == run_coords(
                        row as usize,
                        col as usize,
                        invert,
                    ),
        decreases n - row_num,
    {
        let row = &board.board[row_num];
        proof {
            assert(row@ == board@[row_num as int]);
        }
        let mut starting_col: usize = 0;
        if n >= MIN_COMB_SIZE {
        let last_start = n - MIN_COMB_SIZE;
        while starting_col <= last_start
            invariant
                grid_wf(board@),
                n == board@.len(),
                n >= MIN_COMB_SIZE,
                last_start == n - MIN_COMB_SIZE,
                row_num < n,
                row@ == board@[row_num as int],
                starting_col <= last_start + 1,
                all_window_combos(board@, result@, invert),
                forall|row2: int, col: int|
                    0 <= row2 < row_num && #[trigger] window_match(board@, row2, col)
                        ==> exists|k: int|
                        #![trigger result@[k]]
                        0 <= k < result@.len() && result@[k].color == board@[row2][col].color
                            && result@[k].combinations@ == run_coords(
                            row2 as usize,
                            col as usize,
                            invert,
                        ),
                forall|col: int|
                    0 <= col < starting_col && #[trigger] window_match(
                        board@,
                        row_num as int,
                        col,
                    ) ==> exists|k: int|
                        #![trigger result@[k]]
                        0 <= k < result@.len() && result@[k].color == board@[row_num as int][col].color
                            && result@[k].combinations@ == run_coords(
                            (row_num as int) as usize,
                            col as usize,
                            invert,
                        ),
            decreases n - starting_col,
        {
            proof {
                assert(row@.len() == n);
            }
            let gems = &row.as_slice()[starting_col..starting_col + MIN_COMB_SIZE];
            proof {
                assert(gems@ == board@[row_num as int].subrange(
                    starting_col as int,
                    starting_col + MIN_COMB_SIZE,
                ));
            }
            let ghost old_result = result@;
            if gems_are_matching(gems) {
                proof {
                    assert forall|k: int|
                        0 <= k < MIN_COMB_SIZE implies (#[trigger] board@[row_num as int][starting_col
                        + k]).color == board@[row_num as int][starting_col as int].color by {
                        assert(gems@[k] == board@[row_num as int][starting_col + k]);
                        assert(gems@[0] == board@[row_num as int][starting_col as int]);
                    }
                    assert(window_match(board@, row_num as int, starting_col as int));
                }
                result.push(GemCombination::from_match(gems, row_num, starting_col, invert));
                proof {
                    assert(result@[result@.len() - 1].color == gems@[0].color);
                    assert(gems@[0] == board@[row_num as int][starting_col as int]);
                    assert forall|k: int| #![trigger result@[k]] 0 <= k
                        < result@.len() implies exists|row2: int, col: int|
                        #![trigger window_match(board@, row2, col)]
                        window_match(board@, row2, col) && result@[k].color
                            == board@[row2][col].color && result@[k].combinations@ == run_coords(
                            row2 as usize,
                            col as usize,
                            invert,
                        ) by {
                        if k < old_result.len() {
                            assert(result@[k] == old_result[k]);
                        } else {
                            assert(window_match(board@, row_num as int, starting_col as int));
                        }
                    }
                }
            }
            proof {
                assert forall|col: int|
                    0 <= col < starting_col + 1 && #[trigger] window_match(
                        board@,
                        row_num as int,
                        col,
                    ) implies exists|k: int|
                    #![trigger result@[k]]
                    0 <= k < result@.len() && result@[k].color == board@[row_num as int][col].color
                        && result@[k].combinations@ == run_coords(
                        (row_num as int) as usize,
                        col as usize,
                        invert,
                    ) by {
                    if col == starting_col {
                        assert(forall|k: int|
                            0 <= k < MIN_COMB_SIZE ==> (#[trigger] gems@[k]).color
                                == gems@[0].color) by {
                            assert forall|k: int| 0 <= k < MIN_COMB_SIZE implies (
                            #[trigger] gems@[k]).color == gems@[0].color by {
                                assert(gems@[k] == board@[row_num as int][starting_col + k]);
                                assert(gems@[0] == board@[row_num as int][starting_col as int]);
                            }
                        }
                        assert(result@[result@.len() - 1].combinations@ == run_coords(
                            row_num,
                            starting_col,
                            invert,
                        ));
                    } else {
                        let k = choose|k: int|
                            #![trigger old_result[k]]
                            0 <= k < old_result.len() && old_result[k].color
                                == board@[row_num as int][col].color && old_result[k].combinations@
                                == run_coords((row_num as int) as usize, col as usize, invert);
                        assert(result@[k] == old_result[k]);
                    }
                }
                assert forall|row2: int, col: int|
                    0 <= row2 < row_num && #[trigger] window_match(
                        board@,
                        row2,
                        col,
                    ) implies exists|k: int|
                    #![trigger result@[k]]
                    0 <= k < result@.len() && result@[k].color == board@[row2][col].color
                        && result@[k].combinations@ == run_coords(
                        row2 as usize,
                        col as usize,
                        invert,
                    ) by {
                    let k = choose|k: int|
                        #![trigger old_result[k]]
                        0 <= k < old_result.len() && old_result[k].color == board@[row2][col].color
                            && old_result[k].combinations@ == run_coords(
                            row2 as usize,
                            col as usize,
                            invert,
                        );
                    assert(result@[k] == old_result[k]);
                }
            }
            starting_col = starting_col + 1;
        }
        }
        proof {
            assert forall|col: int|
                #[trigger] window_match(board@, row_num as int, col) implies 0 <= col
                < starting_col by {
                assert(col + MIN_COMB_SIZE <= n);
            }
        }
        row_num = row_num + 1;
    }
    result
}

/// Everything one merge pass guarantees about how its output relates to
/// its input, bundled and kept opaque so that the fixed-point loop can
/// carry it as a single fact.
#[verifier::opaque]
spec fn merge_evolves(input: Seq<GemCombination>, output: Seq<GemCombination>) -> bool {
    &&& all_wf(output)
    &&& coherent(output)
    &&& output.len() <= input.len()
    &&& absorbed_in(input, output)
    &&& colors_from(output, input)
    &&& each_extends_one(output, input)
}

proof fn lemma_merge_evolves_refl(cs: Seq<GemCombination>)
    requires
        all_wf(cs),
        coherent(cs),
    ensures
        merge_evolves(cs, cs),
{
    reveal(merge_evolves);
    lemma_absorbed_refl(cs);
}

proof fn lemma_merge_evolves_trans(
    a: Seq<GemCombination>,
    b: Seq<GemCombination>,
    c: Seq<GemCombination>,
)
    requires
        merge_evolves(a, b),
        merge_evolves(b, c),
    ensures
        merge_evolves(a, c),
{
    reveal(merge_evolves);
    lemma_absorbed_trans(a, b, c);
    lemma_colors_from_trans(c, b, a);
    lemma_extends_trans(c, b, a);
}

proof fn lemma_merge_evolves_unpack(input: Seq<GemCombination>, output: Seq<GemCombination>)
    requires
        merge_evolves(input, output),
    ensures
        all_wf(output),
        coherent(output),
        output.len() <= input.len(),
        absorbed_in(input, output),
        colors_from(output, input),
        each_extends_one(output, input),
{
    reveal(merge_evolves);
}

/// One guarded merge pass: requires that some coordinate is still shared,
/// and returns strictly fewer combinations.
fn merge_pass(combinations: Vec<GemCombination>) -> (result: Vec<GemCombination>)
    requires
        all_wf(combinations@),
        coherent(combinations@),
        has_shared_coordinate(combinations@),
    ensures
        merge_evolves(combinations@, result@),
        result@.len() < combinations@.len(),
{
    proof {
        lemma_merge_pair_exists(combinations@);
    }
    let ghost input = combinations@;
    let result = sanitize_combinations(combinations);
    proof {
        lemma_coherent_from(result@, input);
        reveal(merge_evolves);
    }
    result
}

/// Repeats the merge pass until no coordinate is shared any more: the
/// fixed point of [`sanitize_combinations`].
///
/// The result never drops or invents a coordinate, no two returned
/// combinations share a coordinate, every returned combination extends
/// one of the given ones, and a set that is already merged comes back
/// unchanged: the fixed-point merge is idempotent.
///
/// The set must be coherent (combinations sharing a coordinate agree on
/// color), as every set of combinations detected on one grid is; this is
/// what makes each pass merge at least one pair while any coordinate is
/// still shared.
pub fn merge_until_stable(combinations: Vec<GemCombination>) -> (result: Vec<GemCombination>)
    requires
        all_wf(combinations@),
        coherent(combinations@),
    ensures
        all_wf(result@),
        coherent(result@),
        result@.len() <= combinations@.len(),
        absorbed_in(combinations@, result@),
        colors_from(result@, combinations@),
        each_extends_one(result@, combinations@),
        pairwise_disjoint(result@),
        pairwise_disjoint(combinations@) ==> same_combinations(result@, combinations@),
{
    let ghost initial = combinations@;
    let mut result = combinations;
    proof {
        lemma_merge_evolves_refl(initial);
    }
    while contains_mergeable_combinations(&result)
        invariant
            all_wf(initial),
            merge_evolves(initial, result@),
            pairwise_disjoint(initial) ==> same_combinations(result@, initial),
        decreases result@.len(),
    {
        let ghost before = result@;
        proof {
            lemma_merge_evolves_unpack(initial, before);
            if pairwise_disjoint(initial) {
                lemma_disjoint_not_shared(initial);
                lemma_same_combinations_shared(before, initial);
                assert(false);
            }
        }
        result = merge_pass(result);
        proof {
            lemma_merge_evolves_trans(initial, before, result@);
        }
    }
    proof {
        lemma_merge_evolves_unpack(initial, result@);
        lemma_not_shared_disjoint(result@);
    }
    result
}

#[verifier::rlimit(100)]
#[verifier::spinoff_prover]
proof fn lemma_window_covered(g: Seq<Seq<Gem>>, cs: Seq<GemCombination>, invert: bool)
    requires
        g.len() <= usize::MAX,
        all_window_combos(g, cs, invert),
        window_combos_complete(g, cs, invert),
    ensures
        forall|p: (usize, usize)| #[trigger]
            covered(cs, p) <==> in_row_run(g, coord_col(p, invert), coord_row(p, invert)),
{
    assert forall|p: (usize, usize)| #[trigger]
        covered(cs, p) <==> in_row_run(g, coord_col(p, invert), coord_row(p, invert)) by {
        if covered(cs, p) {
            let k = choose|k: int| 0 <= k < cs.len() && #[trigger] cs[k].covers(p);
            let (row, col) = choose|row: int, col: int|
                #![trigger window_match(g, row, col)]
                window_match(g, row, col) && cs[k].color == g[row][col].color
                    && cs[k].combinations@ == run_coords(row as usize, col as usize, invert);
            lemma_run_coords_facts(row as usize, col as usize, invert);
            let m = choose|m: int|
                0 <= m < cs[k].combinations@.len() && cs[k].combinations@[m] == p;
            assert(coord_row(p, invert) == row && coord_col(p, invert) == col + m);
            assert(in_row_run(g, coord_col(p, invert), coord_row(p, invert)));
        }
        if in_row_run(g, coord_col(p, invert), coord_row(p, invert)) {
            let x = coord_col(p, invert);
            let y = coord_row(p, invert);
            let c = choose|c: int| c <= x < c + MIN_COMB_SIZE && #[trigger] window_match(g, y, c);
            let k = choose|k: int|
                #![trigger cs[k]]
                0 <= k < cs.len() && cs[k].color == g[y][c].color && cs[k].combinations@
                    == run_coords(y as usize, c as usize, invert);
            lemma_run_coords_facts(y as usize, c as usize, invert);
            let coords = run_coords(y as usize, c as usize, invert);
            let m = x - c;
            assert(coords[m].0 == p.0 && coords[m].1 == p.1) by {
                if invert {
                    assert(coords[m] == ((y as usize), ((c + m) as usize)));
                } else {
                    assert(coords[m] == (((c + m) as usize), (y as usize)));
                }
            }
            assert(coords[m] == p);
            assert(cs[k].covers(p));
            assert(covered(cs, p));
        }
    }
}

proof fn lemma_run_absorbed_step(
    cs2: Seq<GemCombination>,
    cs1: Seq<GemCombination>,
    coords: Seq<(usize, usize)>,
    color: GemColor,
)
    requires
        run_absorbed(cs1, coords, color),
        absorbed_in(cs1, cs2),
    ensures
        run_absorbed(cs2, coords, color),
{
    let k = choose|k: int|
        0 <= k < cs1.len() && (#[trigger] cs1[k]).color == color && forall|m: int|
            0 <= m < coords.len() ==> cs1[k].covers(#[trigger] coords[m]);
    assert(absorbs(cs2, cs1[k]));
    let m2 = choose|m2: int|
        #![trigger cs2[m2]]
        0 <= m2 < cs2.len() && cs2[m2].color == cs1[k].color && combo_subset(cs1[k], cs2[m2]);
    assert forall|m: int| 0 <= m < coords.len() implies cs2[m2].covers(#[trigger] coords[m]) by {
        assert(cs1[k].covers(coords[m]));
    }
}

proof fn lemma_run_absorbed_append(
    s1: Seq<GemCombination>,
    s2: Seq<GemCombination>,
    coords: Seq<(usize, usize)>,
    color: GemColor,
)
    requires
        run_absorbed(s1, coords, color) || run_absorbed(s2, coords, color),
    ensures
        run_absorbed(s1 + s2, coords, color),
{
    if run_absorbed(s1, coords, color) {
        let k = choose|k: int|
            0 <= k < s1.len() && (#[trigger] s1[k]).color == color && forall|m: int|
                0 <= m < coords.len() ==> s1[k].covers(#[trigger] coords[m]);
        assert((s1 + s2)[k] == s1[k]);
    } else {
        let k = choose|k: int|
            0 <= k < s2.len() && (#[trigger] s2[k]).color == color && forall|m: int|
                0 <= m < coords.len() ==> s2[k].covers(#[trigger] coords[m]);
        assert((s1 + s2)[s1.len() + k] == s2[k]);
    }
}

proof fn lemma_window_run_absorbed(
    g: Seq<Seq<Gem>>,
    cs: Seq<GemCombination>,
    invert: bool,
    row: int,
    col: int,
)
    requires
        window_combos_complete(g, cs, invert),
        window_match(g, row, col),
    ensures
        run_absorbed(cs, run_coords(row as usize, col as usize, invert), g[row][col].color),
{
    let k = choose|k: int|
        #![trigger cs[k]]
        0 <= k < cs.len() && cs[k].color == g[row][col].color && cs[k].combinations@ == run_coords(
            row as usize,
            col as usize,
            invert,
        );
    let coords = run_coords(row as usize, col as usize, invert);
    assert forall|m: int| 0 <= m < coords.len() implies cs[k].covers(#[trigger] coords[m]) by {
        assert(cs[k].combinations@[m] == coords[m]);
    }
}

proof fn lemma_subset_no_dup_len(s1: Seq<(usize, usize)>, s2: Seq<(usize, usize)>)
    requires
        s1.no_duplicates(),
        s2.no_duplicates(),
        forall|p: (usize, usize)| s1.contains(p) ==> s2.contains(p),
    ensures
        s2.len() >= s1.len(),
{
    broadcast use vstd::seq_lib::seq_to_set_is_finite;

    s1.unique_seq_to_set();
    s2.unique_seq_to_set();
    assert(s1.to_set().subset_of(s2.to_set()));
    vstd::set_lib::lemma_len_subset(s1.to_set(), s2.to_set());
}

proof fn lemma_extends_len(cs2: Seq<GemCombination>, cs1: Seq<GemCombination>, min: int)
    requires
        each_extends_one(cs2, cs1),
        all_wf(cs2),
        all_wf(cs1),
        forall|m: int| 0 <= m < cs1.len() ==> (#[trigger] cs1[m]).combinations@.len() >= min,
    ensures
        forall|k: int| 0 <= k < cs2.len() ==> (#[trigger] cs2[k]).combinations@.len() >= min,
{
    assert forall|k: int| 0 <= k < cs2.len() implies (#[trigger] cs2[k]).combinations@.len()
        >= min by {
        let m = choose|m: int|
            #![trigger cs1[m]]
            0 <= m < cs1.len() && cs2[k].color == cs1[m].color && combo_subset(cs1[m], cs2[k]);
        assert forall|p: (usize, usize)|
            cs1[m].combinations@.contains(p) implies cs2[k].combinations@.contains(p) by {
            assert(cs1[m].covers(p));
        }
        lemma_subset_no_dup_len(cs1[m].combinations@, cs2[k].combinations@);
    }
}

/// Finds every combination of the grid: the matched windows of the rows
/// — and, unless `skip_transposition` is set, of the columns too, found
/// by scanning the transposed grid — merged to a fixed point, so that no
/// two returned combinations share a coordinate.
pub fn find_combinations(board: &Board, skip_transposition: bool) -> (result: Vec<GemCombination>)
    requires
        grid_wf(board@),
    ensures
        all_wf(result@),
        all_on_grid(board@, result@, skip_transposition),
        pairwise_disjoint(result@),
        forall|k: int|
            0 <= k < result@.len() ==> (#[trigger] result@[k]).combinations@.len()
                >= MIN_COMB_SIZE,
        forall|p: (usize, usize)| #[trigger]
            covered(result@, p) <==> scan_hit(board@, p, skip_transposition),
        forall|row: int, col: int|
            #[trigger] window_match(board@, row, col) ==> run_absorbed(
                result@,
                run_coords(row as usize, col as usize, skip_transposition),
                board@[row][col].color,
            ),
        !skip_transposition ==> (forall|row: int, col: int|
            #[trigger] column_match(board@, row, col) ==> run_absorbed(
                result@,
                run_coords(col as usize, row as usize, true),
                board@[row][col].color,
            )),
    decreases (if skip_transposition {
        0int
    } else {
        1int
    }),
{
    let ghost g = board@;
    let n = board.board.len();
    proof {
        assert(g.len() == n);
    }
    let mut result = scan_rows(board, skip_transposition);
    let ghost row_combos = result@;
    proof {
        lemma_window_combos_props(g, row_combos, skip_transposition);
    }
    if !skip_transposition {
        let transposed_board = board.transpose();
        let mut more = find_combinations(&transposed_board, true);
        let ghost col_combos = more@;
        result.append(&mut more);
        proof {
            assert(result@ == row_combos + col_combos);
            lemma_transpose_on_grid(g, col_combos);
            lemma_on_grid_append(g, row_combos, col_combos, false);
        }
    }
    let ghost raw_all = result@;
    proof {
        lemma_on_grid_coherent(g, raw_all, skip_transposition);
    }
    let merged = merge_until_stable(result);
    proof {
        lemma_on_grid_transfer(g, merged@, raw_all, skip_transposition);
        // Each merged combination extends a raw one, so holds at least a
        // full window of distinct coordinates.
        assert forall|m: int|
            0 <= m < raw_all.len() implies (#[trigger] raw_all[m]).combinations@.len()
            >= MIN_COMB_SIZE by {
            if !skip_transposition && m >= row_combos.len() {
                assert(raw_all[m] == (row_combos + raw_all.skip(row_combos.len() as int))[m]);
            }
        }
        lemma_extends_len(merged@, raw_all, MIN_COMB_SIZE as int);
        // The coordinates covered by the result are exactly the cells of
        // the matched runs.
        crate::laws::lemma_coordinate_conservation(raw_all, merged@);
        lemma_window_covered(g, row_combos, skip_transposition);
        if !skip_transposition {
            let ghost t = transpose_of(g);
            let ghost col_combos = raw_all.skip(row_combos.len() as int);
            assert(raw_all == row_combos + col_combos);
            lemma_covered_append(row_combos, col_combos);
            assert forall|p: (usize, usize)| #[trigger]
                covered(merged@, p) <==> scan_hit(g, p, false) by {
                lemma_transpose_runs(g, p.1 as int, p.0 as int);
                assert(covered(merged@, p) <==> covered(raw_all, p));
                assert(covered(row_combos, p) <==> in_row_run(g, p.0 as int, p.1 as int));
                assert(covered(col_combos, p) <==> in_row_run(t, p.1 as int, p.0 as int));
            }
            assert forall|row: int, col: int|
                #[trigger] window_match(g, row, col) implies run_absorbed(
                merged@,
                run_coords(row as usize, col as usize, false),
                g[row][col].color,
            ) by {
                lemma_window_run_absorbed(g, row_combos, false, row, col);
                lemma_run_absorbed_append(
                    row_combos,
                    col_combos,
                    run_coords(row as usize, col as usize, false),
                    g[row][col].color,
                );
                lemma_run_absorbed_step(
                    merged@,
                    raw_all,
                    run_coords(row as usize, col as usize, false),
                    g[row][col].color,
                );
            }
            assert forall|row: int, col: int|
                #[trigger] column_match(g, row, col) implies run_absorbed(
                merged@,
                run_coords(col as usize, row as usize, true),
                g[row][col].color,
            ) by {
                lemma_transpose_window(g, col, row);
                assert(window_match(t, col, row));
                assert(t[col][row] == g[row][col]);
                assert(run_absorbed(
                    col_combos,
                    run_coords(col as usize, row as usize, true),
                    g[row][col].color,
                ));
                lemma_run_absorbed_append(
                    row_combos,
                    col_combos,
                    run_coords(col as usize, row as usize, true),
                    g[row][col].color,
                );
                lemma_run_absorbed_step(
                    merged@,
                    raw_all,
                    run_coords(col as usize, row as usize, true),
                    g[row][col].color,
                );
            }
        } else {
            assert forall|p: (usize, usize)| #[trigger]
                covered(merged@, p) <==> scan_hit(g, p, true) by {
                assert(covered(merged@, p) <==> covered(raw_all, p));
            }
            assert forall|row: int, col: int|
                #[trigger] window_match(g, row, col) implies run_absorbed(
                merged@,
                run_coords(row as usize, col as usize, true),
                g[row][col].color,
            ) by {
                lemma_window_run_absorbed(g, raw_all, true, row, col);
                lemma_run_absorbed_step(
                    merged@,
                    raw_all,
                    run_coords(row as usize, col as usize, true),
                    g[row][col].color,
                );
            }
        }
    }
    merged
}

} // verus!
