//! A match-3 puzzle core: a square grid of colored gems, a detector that
//! finds and merges runs of three or more same-colored gems, and a scanner
//! that decides whether a single adjacent swap could create such a run.

pub mod board;
pub mod constants;
pub mod detector;
pub mod gem;
pub mod gem_color;
pub mod gem_combination;
pub mod laws;
pub mod scanner;
pub mod utilities;
