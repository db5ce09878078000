use quotation_align::path::{Point, MAX_COST_BITS};
use quotation_align::windows::{
    border_windows, join_window_paths, next_window, prepend_edge_run, stable_order_by_key, window_numbers,
    window_range, window_shifts_fit, WindowPath, WindowStep, SCORE_BATCH,
};

fn p(x: usize, y: usize, c: f32) -> Point {
    (x, y, c.to_bits())
}

#[test]
fn window_range_skips_then_takes() {
    assert_eq!(window_range(500, 100, SCORE_BATCH), (100, 300));
    assert_eq!(window_range(250, 100, SCORE_BATCH), (100, 250));
    assert_eq!(window_range(50, 100, SCORE_BATCH), (50, 50));
    assert_eq!(window_range(0, 0, 5), (0, 0));
    assert_eq!(window_range(usize::MAX, usize::MAX - 1, 5), (usize::MAX - 1, usize::MAX));
}

#[test]
fn next_window_stops_at_the_end_of_a_text() {
    let path = vec![p(0, 0, 0.0), p(1, 1, 0.0), p(2, 2, 0.0)];
    // 10 + 2 + 1 == 13
    assert_eq!(next_window(&path, 10, 0, 13, 100), WindowStep::Done);
    assert_eq!(next_window(&path, 0, 20, 100, 23), WindowStep::Done);
}

#[test]
fn next_window_moves_by_the_middle_step() {
    let path = vec![p(0, 0, 0.0), p(1, 1, 0.0), p(3, 2, 0.0), p(4, 3, 0.0)];
    // the middle step is (3, 2): the left text moves by its row, the right by its column
    assert_eq!(next_window(&path, 10, 20, 100, 100), WindowStep::Next { left_start: 12, right_start: 23 });
}

#[test]
fn prepend_edge_run_goes_down_the_first_column() {
    let out = prepend_edge_run(vec![p(0, 3, 0.5), p(1, 4, 0.5)]);
    assert_eq!(
        out,
        vec![(0, 0, MAX_COST_BITS), (0, 1, MAX_COST_BITS), (0, 2, MAX_COST_BITS), p(0, 3, 0.5), p(1, 4, 0.5)]
    );
}

#[test]
fn prepend_edge_run_goes_along_the_first_row() {
    let out = prepend_edge_run(vec![p(2, 0, 0.5)]);
    assert_eq!(out, vec![p(0, 0, 1.0), p(1, 0, 1.0), p(2, 0, 0.5)]);
    let out = prepend_edge_run(vec![p(0, 0, 0.5), p(1, 1, 0.0)]);
    assert_eq!(out, vec![p(0, 0, 0.5), p(1, 1, 0.0)]);
}

#[test]
fn border_windows_every_step() {
    assert_eq!(border_windows(120, 50, 100), vec![(0, 100), (50, 120), (100, 120)]);
    assert_eq!(border_windows(100, 50, 100), vec![(0, 100), (50, 100)]);
    assert_eq!(border_windows(0, 50, 100), Vec::<(usize, usize)>::new());
    assert_eq!(border_windows(30, 50, 100), vec![(0, 30)]);
    // every word lies in some window
    let windows = border_windows(233, 50, 100);
    for w in 0..233 {
        assert!(windows.iter().any(|&(a, b)| a <= w && w < b));
    }
}

#[test]
fn stable_order_keeps_equal_keys_in_place() {
    assert_eq!(stable_order_by_key(&[3, 1, 2, 1, 0]), vec![4, 1, 3, 2, 0]);
    assert_eq!(stable_order_by_key(&[]), Vec::<usize>::new());
    assert_eq!(stable_order_by_key(&[5, 5, 5]), vec![0, 1, 2]);
}

fn window(index: usize, dy: usize, dx: usize, points: Vec<Point>) -> WindowPath {
    WindowPath { index, dy, dx, points }
}

#[test]
fn join_window_paths_in_window_order() {
    let windows = vec![
        window(1, 2, 1, vec![p(0, 0, 0.0), p(1, 1, 0.0)]),
        window(0, 0, 0, vec![p(0, 0, 0.0), p(1, 1, 0.0), p(1, 2, 0.0), p(2, 3, 0.0)]),
    ];
    assert_eq!(window_numbers(&windows), vec![1, 0]);
    assert!(window_shifts_fit(&windows));
    // the second window starts at (1, 2): back on the first one's path
    let joined = join_window_paths(&windows);
    assert_eq!(joined, vec![p(0, 0, 0.0), p(1, 1, 0.0), p(1, 2, 0.0), p(2, 3, 0.0)]);
}

#[test]
fn join_window_paths_cuts_overlaps() {
    let windows = vec![
        window(0, 0, 0, vec![p(0, 0, 0.0), p(1, 1, 0.0), p(2, 2, 0.0), p(3, 3, 0.0)]),
        window(1, 1, 1, vec![p(0, 0, 0.0), p(1, 1, 0.0), p(2, 1, 0.0)]),
    ];
    let joined = join_window_paths(&windows);
    assert_eq!(joined, vec![p(0, 0, 0.0), p(1, 1, 0.0), p(2, 2, 0.0), p(3, 2, 0.0)]);
}

#[test]
fn window_shifts_that_overflow_are_found() {
    let windows = vec![window(0, 0, usize::MAX, vec![p(1, 0, 0.0)])];
    assert!(!window_shifts_fit(&windows));
    let windows = vec![window(0, usize::MAX, 0, vec![p(0, 0, 0.0)])];
    assert!(window_shifts_fit(&windows));
}
