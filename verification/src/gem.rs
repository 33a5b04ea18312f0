//! A gem: one colored token occupying a grid cell.

use crate::gem_color::GemColor;
use vstd::prelude::*;

verus! {

/// One colored token. A value type: copied, never mutated once placed.
#[derive(PartialEq, Eq, Structural, Clone, Copy, Debug)]
pub struct Gem {
    pub color: GemColor,
}

impl Gem {
    /// Wraps a color in a gem.
    pub fn new(color: GemColor) -> (result: Gem)
        ensures
            result.color == color,
    {
        Gem { color }
    }

    /// A gem of a random color.
    pub fn random() -> Gem {
        Gem::new(GemColor::random())
    }
}

} // verus!
