use branch_diff::width::{
    clamped_branch_diff_tree_width, px, Pixels, BRANCH_DIFF_TREE_MIN_WIDTH, UNITS_PER_PIXEL,
};

#[test]
fn test_branch_diff_tree_width_is_clamped_to_available_space() {
    assert_eq!(
        clamped_branch_diff_tree_width(px(120), px(1000)),
        BRANCH_DIFF_TREE_MIN_WIDTH
    );
    assert_eq!(
        clamped_branch_diff_tree_width(px(480), px(1000)),
        px(480)
    );
    assert_eq!(
        clamped_branch_diff_tree_width(px(900), px(1000)),
        px(760)
    );
}

#[test]
fn the_tree_keeps_its_least_width_without_room() {
    assert_eq!(clamped_branch_diff_tree_width(px(900), px(399)), px(160));
    assert_eq!(clamped_branch_diff_tree_width(px(900), px(400)), px(160));
    assert_eq!(clamped_branch_diff_tree_width(px(900), px(401)), px(161));
    assert_eq!(clamped_branch_diff_tree_width(px(-5), px(-5)), px(160));
    assert_eq!(clamped_branch_diff_tree_width(i64::MAX, i64::MIN), px(160));
}

#[test]
fn a_clamped_width_is_kept() {
    for requested in [0, 100, 160, 161, 500, 5000] {
        for available in [0, 399, 400, 640, 1000] {
            let once = clamped_branch_diff_tree_width(px(requested), px(available));
            assert_eq!(clamped_branch_diff_tree_width(once, px(available)), once);
            let wider = clamped_branch_diff_tree_width(px(requested + 7), px(available + 3));
            assert!(once <= wider);
        }
    }
}

fn to_units(pixels: f32) -> Pixels {
    (pixels * UNITS_PER_PIXEL as f32) as i64
}

fn to_pixels(units: Pixels) -> f32 {
    (units as f64 / UNITS_PER_PIXEL as f64) as f32
}

/// Fractions of a pixel come out as single-precision arithmetic has them.
#[test]
fn fractions_are_exact() {
    let widths: [f32; 12] = [
        -3.25, 0.1, 127.99999, 159.99998, 160.0, 160.00002, 333.33334, 399.99997, 400.1, 479.7,
        1000.0625, 16_777_215.0,
    ];
    for requested in widths {
        for available in widths {
            let max_width = (available - 240.0).max(160.0);
            let expected = requested.clamp(160.0, max_width);
            let width = clamped_branch_diff_tree_width(to_units(requested), to_units(available));
            assert_eq!(to_pixels(width), expected);
        }
    }
}
