use pdfwm::engine::{tile_bounds, tile_count, window_positions, MAX_POS_PER_AXIS, MAX_TILES_PER_AXIS};

#[test]
fn tile_count_rounds_and_caps() {
    assert_eq!(tile_count(4250, 1280), 3); // US-Letter width @500dpi -> 3 cols
    assert_eq!(tile_count(5500, 1280), 4); // US-Letter height @500dpi -> 4 rows
    assert_eq!(tile_count(600, 1280), 1); // small image -> a single tile
    assert_eq!(tile_count(0, 1280), 1);
    assert_eq!(tile_count(1000, 0), 1); // tiling disabled
    assert_eq!(tile_count(1_000_000, 1280), MAX_TILES_PER_AXIS); // capped
}

#[test]
fn tile_bounds_partition_is_exact_and_monotonic() {
    let bounds = tile_bounds(4250, 3);
    assert_eq!(bounds.first(), Some(&0));
    assert_eq!(bounds.last(), Some(&4250));
    assert_eq!(bounds.len(), 4);
    assert!(bounds.windows(2).all(|w| w[1] > w[0]));
}

#[test]
fn window_positions_cover_both_ends_and_are_bounded() {
    let positions = window_positions(1700, 567, 283);
    assert_eq!(positions.first(), Some(&0));
    assert_eq!(*positions.last().unwrap(), 1700 - 567); // flush-right included
    assert!(positions.len() as u32 <= MAX_POS_PER_AXIS);
    // A window at least as large as the image yields one position at the origin.
    assert_eq!(window_positions(100, 200, 50), vec![0]);
}

#[test]
fn window_positions_subsample_keeps_ends() {
    // A very fine stride would exceed the per-axis cap; ends must survive.
    let positions = window_positions(4000, 200, 60);
    assert!(positions.len() as u32 <= MAX_POS_PER_AXIS);
    assert_eq!(positions.first(), Some(&0));
    assert_eq!(*positions.last().unwrap(), 4000 - 200);
}
