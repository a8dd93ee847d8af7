use vstd::prelude::*;

verus! {

/// What decides how many characters fit on a display line.
#[derive(Clone, Copy, Debug, PartialEq, Eq, Structural)]
pub struct WrapContext {
    /// The width of the editing surface, in whole pixels.
    pub display_width_px: i32,
    /// The pixel size of the font that the text is shown in.
    pub font_size_px: i32,
}

/// The number of characters that fit on a display line: the width divided by
/// half the font size, each division rounded down. Every character is taken
/// to be half as wide as the font is high. A width below zero or a font
/// below two pixels leaves nothing to divide, and a width below one
/// character yields no room: the budget is then one.
pub open spec fn budget_of(display_width_px: int, font_size_px: int) -> int {
    if display_width_px < 0 || font_size_px < 2 {
        1
    } else if display_width_px / (font_size_px / 2) < 1 {
        1
    } else {
        display_width_px / (font_size_px / 2)
    }
}

/// Computes the number of characters that fit on a display line.
pub fn character_budget(display_width_px: i32, font_size_px: i32) -> (budget: usize)
    ensures
        budget == budget_of(display_width_px as int, font_size_px as int),
        budget >= 1,
{
    if display_width_px < 0 || font_size_px < 2 {
        return 1;
    }
    let width: u32 = display_width_px as u32;
    let advance: u32 = font_size_px as u32 / 2;
    let fit: u32 = width / advance;
    if fit < 1 {
        1
    } else {
        fit as usize
    }
}

impl WrapContext {
    /// The budget that this context allows.
    pub open spec fn budget_spec(&self) -> int {
        budget_of(self.display_width_px as int, self.font_size_px as int)
    }

    /// Computes the budget that this context allows.
    pub fn budget(&self) -> (budget: usize)
        ensures
            budget == self.budget_spec(),
            budget >= 1,
    {
        character_budget(self.display_width_px, self.font_size_px)
    }
}

} // verus!
