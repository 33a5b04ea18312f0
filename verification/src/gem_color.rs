//! The color of a gem: one of a fixed palette of five values, with the
//! glyph alphabet used by the textual board format.

use rand::Rng;
use vstd::prelude::*;

verus! {

/// One of the five colors a gem can have. Colors have no order; only
/// equality matters.
#[derive(PartialEq, Eq, Structural, Clone, Copy, Debug)]
pub enum GemColor {
    Blue,
    Green,
    Red,
    Yellow,
    Purple,
}

/// True of the five characters that the textual board format uses, one
/// per color.
pub open spec fn is_color_glyph(c: char) -> bool {
    c == '🟦' || c == '🟩' || c == '🟥' || c == '🟨' || c == '🟪'
}

/// The color that a glyph character stands for.
pub open spec fn color_of_glyph(c: char) -> GemColor {
    if c == '🟦' {
        GemColor::Blue
    } else if c == '🟩' {
        GemColor::Green
    } else if c == '🟥' {
        GemColor::Red
    } else if c == '🟨' {
        GemColor::Yellow
    } else {
        GemColor::Purple
    }
}

/// The glyph character that stands for a color.
pub open spec fn glyph_of_color(color: GemColor) -> char {
    match color {
        GemColor::Blue => '🟦',
        GemColor::Green => '🟩',
        GemColor::Red => '🟥',
        GemColor::Yellow => '🟨',
        GemColor::Purple => '🟪',
    }
}

/// Relies on rand::Rng::gen_range, which returns a value drawn from the
/// given half-open range, here 0..5.
#[verifier::external_body]
fn random_color_index() -> (result: i32)
    ensures
        0 <= result < 5,
{
    rand::thread_rng().gen_range(0..5)
}

impl GemColor {
    /// Draws one of the five colors at random.
    pub fn random() -> GemColor {
        let index = random_color_index();
        match index {
            0 => GemColor::Blue,
            1 => GemColor::Green,
            2 => GemColor::Red,
            3 => GemColor::Yellow,
            _ => GemColor::Purple,
        }
    }

    /// Reads a color from its glyph character. Any other character is a
    /// malformed board description and is excluded by the precondition.
    pub fn from_char(gem_char: char) -> (result: GemColor)
        requires
            is_color_glyph(gem_char),
        ensures
            result == color_of_glyph(gem_char),
    {
        match gem_char {
            '🟦' => GemColor::Blue,
            '🟩' => GemColor::Green,
            '🟥' => GemColor::Red,
            '🟨' => GemColor::Yellow,
            _ => GemColor::Purple,
        }
    }

    /// The glyph character of this color, the inverse of `from_char`.
    pub fn as_char(&self) -> (result: char)
        ensures
            result == glyph_of_color(*self),
            is_color_glyph(result),
            color_of_glyph(result) == *self,
    {
        match self {
            GemColor::Blue => '🟦',
            GemColor::Green => '🟩',
            GemColor::Red => '🟥',
            GemColor::Yellow => '🟨',
            GemColor::Purple => '🟪',
        }
    }
}

} // verus!
