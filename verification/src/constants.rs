//! The configuration values of the puzzle core.

use vstd::prelude::*;

verus! {

/// Side length of the canonical board.
pub const BOARD_SIZE: usize = 8;

/// Length of the shortest run that counts as a combination.
pub const MIN_COMB_SIZE: usize = 3;

/// Width of the paired-cell window that the possible-move scanner slides
/// across each row.
pub const POSSIBLE_COMB_SIZE: usize = 2;

} // verus!
