use pdfwm::search::{search_windows, SearchWindow, MIN_WINDOW};

fn win(x: u32, y: u32, side: u32) -> SearchWindow {
    SearchWindow { x, y, side }
}

#[test]
fn sweep_is_row_major_and_skips_small_scales() {
    let windows = search_windows(1000, 600, &vec![(198, 99), (150, 75)], 180);
    assert_eq!(windows.len(), 42);
    assert_eq!(windows[0], win(0, 0, 198));
    assert_eq!(windows[1], win(99, 0, 198));
    assert_eq!(windows[6], win(802, 0, 198));
    assert_eq!(windows[7], win(0, 99, 198));
    assert_eq!(windows[41], win(802, 402, 198));
    assert!(windows.iter().all(|w| w.side >= MIN_WINDOW));
}

#[test]
fn sweep_stops_at_the_window_budget() {
    let windows = search_windows(1000, 600, &vec![(198, 99), (300, 150)], 5);
    assert_eq!(
        windows,
        vec![win(0, 0, 198), win(99, 0, 198), win(297, 0, 198), win(396, 0, 198), win(594, 0, 198)]
    );
    assert!(search_windows(1000, 600, &vec![(198, 99)], 0).is_empty());
}

#[test]
fn scales_follow_one_another() {
    let windows = search_windows(400, 400, &vec![(200, 100), (400, 200)], 180);
    // 200-pixel windows start at 0, 100, 200 on each axis; a 400-pixel window covers the image.
    assert_eq!(windows.len(), 10);
    assert_eq!(windows[8], win(200, 200, 200));
    assert_eq!(windows[9], win(0, 0, 400));
}

#[test]
fn oversized_window_sits_at_the_origin() {
    let windows = search_windows(300, 250, &vec![(500, 250)], 180);
    assert_eq!(windows, vec![win(0, 0, 500)]);
}

#[test]
fn windows_stay_inside_the_image() {
    let windows = search_windows(1700, 1100, &vec![(363, 182), (550, 275), (990, 495)], 180);
    for w in &windows {
        assert!(w.x + w.side <= 1700);
        assert!(w.y + w.side <= 1100);
    }
}
