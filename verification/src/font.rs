use vstd::prelude::*;

verus! {

/// Smallest font size, in pixels, that the editing surface offers.
pub const MIN_FONT_SIZE: i32 = 8;

/// Largest font size, in pixels, that the editing surface offers.
pub const MAX_FONT_SIZE: i32 = 44;

/// Whether `size` lies in the inclusive range of offered font sizes.
pub open spec fn font_size_allowed(size: int) -> bool {
    MIN_FONT_SIZE <= size <= MAX_FONT_SIZE
}

/// The font size that results from asking for `size + delta`: the sum where
/// it is an offered size, and `size` unchanged where it is not.
pub open spec fn font_size_after(size: int, delta: int) -> int {
    if font_size_allowed(size + delta) {
        size + delta
    } else {
        size
    }
}

/// Applies a requested change to a font size. A request that would leave the
/// offered range is dropped without notice and the size stays as it was.
pub fn apply_font_delta(size: i32, delta: i32) -> (next: i32)
    ensures
        next == font_size_after(size as int, delta as int),
{
    let wanted: i64 = size as i64 + delta as i64;
    if wanted < MIN_FONT_SIZE as i64 || wanted > MAX_FONT_SIZE as i64 {
        size
    } else {
        wanted as i32
    }
}

} // verus!
