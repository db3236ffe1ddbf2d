//! The width of the tree beside the editor.
use vstd::prelude::*;

verus! {

/// A length on the screen, in 65536ths of a pixel.
///
/// Every single-precision number of pixels from 128 up to 2^28 is a whole number of these units,
/// and so is what is left of it when the editor has its least width. A window's widths therefore
/// lose nothing here: what lies below 128 pixels is too narrow for the tree in any case.
pub type Pixels = i64;

/// How many units make a pixel.
pub const UNITS_PER_PIXEL: Pixels = 65536;

/// The width that the tree starts with.
pub const BRANCH_DIFF_TREE_DEFAULT_WIDTH: Pixels = 240 * UNITS_PER_PIXEL;

/// The least width of the tree.
pub const BRANCH_DIFF_TREE_MIN_WIDTH: Pixels = 160 * UNITS_PER_PIXEL;

/// The width that the tree leaves to the editor where it can.
pub const BRANCH_DIFF_EDITOR_MIN_WIDTH: Pixels = 240 * UNITS_PER_PIXEL;

/// A whole number of pixels.
pub fn px(pixels: i32) -> (length: Pixels)
    ensures
        length == pixels * UNITS_PER_PIXEL,
{
    pixels as i64 * UNITS_PER_PIXEL
}

/// The greatest width of the tree where `available` is there for it and the editor: what the
/// editor leaves, but no less than the least width.
pub open spec fn max_tree_width(available: int) -> int {
    if available - BRANCH_DIFF_EDITOR_MIN_WIDTH < BRANCH_DIFF_TREE_MIN_WIDTH {
        BRANCH_DIFF_TREE_MIN_WIDTH as int
    } else {
        available - BRANCH_DIFF_EDITOR_MIN_WIDTH
    }
}

/// The width nearest to `requested` that the tree can have.
pub open spec fn clamped_width(requested: int, available: int) -> int {
    if requested < BRANCH_DIFF_TREE_MIN_WIDTH {
        BRANCH_DIFF_TREE_MIN_WIDTH as int
    } else if requested > max_tree_width(available) {
        max_tree_width(available)
    } else {
        requested
    }
}

/// The width nearest to `requested` that the tree can have where `available` is there for it and
/// the editor.
pub fn clamped_branch_diff_tree_width(requested: Pixels, available: Pixels) -> (width: Pixels)
    ensures
        width == clamped_width(requested as int, available as int),
        requested < BRANCH_DIFF_TREE_MIN_WIDTH ==> width == BRANCH_DIFF_TREE_MIN_WIDTH,
        BRANCH_DIFF_TREE_MIN_WIDTH <= requested <= available - BRANCH_DIFF_EDITOR_MIN_WIDTH
            ==> width == requested,
        requested >= available - BRANCH_DIFF_EDITOR_MIN_WIDTH >= BRANCH_DIFF_TREE_MIN_WIDTH
            ==> width == available - BRANCH_DIFF_EDITOR_MIN_WIDTH,
        available - BRANCH_DIFF_EDITOR_MIN_WIDTH < BRANCH_DIFF_TREE_MIN_WIDTH ==> width
            == BRANCH_DIFF_TREE_MIN_WIDTH,
{
    let max_width: Pixels = if available < BRANCH_DIFF_EDITOR_MIN_WIDTH
        + BRANCH_DIFF_TREE_MIN_WIDTH {
        BRANCH_DIFF_TREE_MIN_WIDTH
    } else {
        available - BRANCH_DIFF_EDITOR_MIN_WIDTH
    };
    if requested < BRANCH_DIFF_TREE_MIN_WIDTH {
        BRANCH_DIFF_TREE_MIN_WIDTH
    } else if requested > max_width {
        max_width
    } else {
        requested
    }
}

/// A clamped width is at least the least width of the tree. It leaves the editor its own least
/// width wherever there is room for both.
pub proof fn law_width_leaves_room(requested: int, available: int)
    ensures
        clamped_width(requested, available) >= BRANCH_DIFF_TREE_MIN_WIDTH,
        available >= BRANCH_DIFF_TREE_MIN_WIDTH + BRANCH_DIFF_EDITOR_MIN_WIDTH
            ==> available - clamped_width(requested, available) >= BRANCH_DIFF_EDITOR_MIN_WIDTH,
{
}

/// A width that the tree can have is kept, so that clamping twice is clamping once.
pub proof fn law_width_settles(requested: int, available: int)
    ensures
        clamped_width(clamped_width(requested, available), available) == clamped_width(
            requested,
            available,
        ),
{
}

/// A wider request and more room never make the tree narrower.
pub proof fn law_width_is_monotone(
    requested: int,
    wider: int,
    available: int,
    more_available: int,
)
    requires
        requested <= wider,
        available <= more_available,
    ensures
        clamped_width(requested, available) <= clamped_width(wider, more_available),
{
}

/// Every request that the tree can have is kept: one that is no less than the least width of the
/// tree, and leaves the editor its own.
pub proof fn law_width_keeps_what_fits(requested: int, available: int)
    requires
        BRANCH_DIFF_TREE_MIN_WIDTH <= requested,
        requested <= available - BRANCH_DIFF_EDITOR_MIN_WIDTH,
    ensures
        clamped_width(requested, available) == requested,
{
}

/// No width that the tree can have is nearer to the request than the one that it gets. It can have
/// the least width in any case, and any greater one that leaves the editor its least width.
pub proof fn law_width_is_nearest(requested: int, available: int, other: int)
    requires
        other >= BRANCH_DIFF_TREE_MIN_WIDTH,
        other == BRANCH_DIFF_TREE_MIN_WIDTH || other <= available - BRANCH_DIFF_EDITOR_MIN_WIDTH,
    ensures
        requested <= other ==> requested <= clamped_width(requested, available) <= other,
        requested >= other ==> requested >= clamped_width(requested, available) >= other,
{
}

/// Where there is no room for both, the tree has its least width.
pub proof fn law_width_without_room(requested: int, available: int)
    requires
        available < BRANCH_DIFF_TREE_MIN_WIDTH + BRANCH_DIFF_EDITOR_MIN_WIDTH,
    ensures
        clamped_width(requested, available) == BRANCH_DIFF_TREE_MIN_WIDTH,
{
}

} // verus!
